//! The tokenizer: from characters to tokens.
//!
//! What the tokenizer produces is defined on sequences of characters by
//! [`next_token_at`] and [`tokens_of`]; [`Lexer`] and [`tokenize`] compute it.

use crate::decimal::{all_digits, append_decimal, decimal_digits, decimal_value, is_digit};
use vstd::prelude::*;

verus! {

/// One lexical unit of an arithmetic expression.
#[derive(Debug, Clone, Copy, PartialEq, Eq, Structural)]
pub enum Token {
    LBracket,
    RBracket,
    Plus,
    Minus,
    Mult,
    Div,
    Num { value: u32 },
}

/// What was wrong with the text at the place where a token was expected.
#[derive(Debug, Clone, Copy, PartialEq, Eq, Structural)]
pub enum LexErrorKind {
    /// The character starts no token.
    InvalidCharacter(char),
    /// The digits denote a number above `u32::MAX`.
    NumberTooLarge,
}

/// A failure of the tokenizer.
#[derive(Debug, Clone, Copy, PartialEq, Eq, Structural)]
pub struct LexError {
    pub kind: LexErrorKind,
    /// How many characters precede the place of the failure.
    pub position: usize,
    /// The line of that place, counted from 1.
    pub line: usize,
}

impl Token {
    /// How the token is named in a message: a symbol between quotes, a number
    /// by its value.
    pub open spec fn description(self) -> Seq<char> {
        match self {
            Token::LBracket => "'('"@,
            Token::RBracket => "')'"@,
            Token::Plus => "'+'"@,
            Token::Minus => "'-'"@,
            Token::Mult => "'*'"@,
            Token::Div => "'/'"@,
            Token::Num { value } => "number "@ + decimal_digits(value as nat),
        }
    }

    /// Appends the name of the token in a message to `out`.
    pub fn describe_into(&self, out: &mut String)
        ensures
            final(out)@ == old(out)@ + self.description(),
    {
        match self {
            Token::LBracket => out.append("'('"),
            Token::RBracket => out.append("')'"),
            Token::Plus => out.append("'+'"),
            Token::Minus => out.append("'-'"),
            Token::Mult => out.append("'*'"),
            Token::Div => out.append("'/'"),
            Token::Num { value } => {
                out.append("number ");
                append_decimal(out, *value as u64);
                assert(out@ =~= old(out)@ + self.description());
            },
        }
    }
}

impl LexError {
    /// The message of the failure: what is wrong, and where.
    pub open spec fn message_text(self) -> Seq<char> {
        let what = match self.kind {
            LexErrorKind::InvalidCharacter(_) => "invalid character"@,
            LexErrorKind::NumberTooLarge => "number too large"@,
        };
        what + " at position "@ + decimal_digits(self.position as nat) + ", line "@
            + decimal_digits(self.line as nat)
    }

    /// The message of the failure, for a person to read.
    pub fn message(&self) -> (text: String)
        ensures
            text@ == self.message_text(),
    {
        let mut text = String::new();
        match self.kind {
            LexErrorKind::InvalidCharacter(_) => text.append("invalid character"),
            LexErrorKind::NumberTooLarge => text.append("number too large"),
        }
        text.append(" at position ");
        append_decimal(&mut text, self.position as u64);
        text.append(", line ");
        append_decimal(&mut text, self.line as u64);
        assert(text@ =~= self.message_text());
        text
    }
}

/// Whether `c` separates tokens: space, tab, line feed or carriage return.
pub open spec fn is_whitespace(c: char) -> bool {
    c == ' ' || c == '\n' || c == '\r' || c == '\t'
}

/// Whether `c` ends a line: line feed or carriage return.
pub open spec fn is_line_break(c: char) -> bool {
    c == '\n' || c == '\r'
}

/// The token that the single character `c` forms, if it forms one.
pub open spec fn symbol_token(c: char) -> Option<Token> {
    if c == '(' {
        Some(Token::LBracket)
    } else if c == ')' {
        Some(Token::RBracket)
    } else if c == '+' {
        Some(Token::Plus)
    } else if c == '-' {
        Some(Token::Minus)
    } else if c == '*' {
        Some(Token::Mult)
    } else if c == '/' {
        Some(Token::Div)
    } else {
        None
    }
}

/// Whether `c` may occur in a text that the tokenizer accepts.
pub open spec fn is_accepted(c: char) -> bool {
    is_whitespace(c) || is_digit(c) || symbol_token(c) is Some
}

/// The number of line breaks in `s`.
pub open spec fn count_line_breaks(s: Seq<char>) -> nat
    decreases s.len(),
{
    if s.len() == 0 {
        0
    } else {
        count_line_breaks(s.drop_last()) + if is_line_break(s.last()) {
            1nat
        } else {
            0nat
        }
    }
}

/// The first position from `pos` on that holds no whitespace, or the end.
pub open spec fn whitespace_end(s: Seq<char>, pos: nat) -> nat
    decreases s.len() - pos,
{
    if pos < s.len() && is_whitespace(s[pos as int]) {
        whitespace_end(s, pos + 1)
    } else {
        pos
    }
}

/// The first position from `pos` on that holds no digit, or the end.
pub open spec fn digits_end(s: Seq<char>, pos: nat) -> nat
    decreases s.len() - pos,
{
    if pos < s.len() && is_digit(s[pos as int]) {
        digits_end(s, pos + 1)
    } else {
        pos
    }
}

/// The failure of kind `kind` at position `at` of `s`.
pub open spec fn lex_error_at(s: Seq<char>, at: nat, kind: LexErrorKind) -> LexError {
    LexError {
        kind,
        position: at as usize,
        line: (count_line_breaks(s.take(at as int)) + 1) as usize,
    }
}

/// One step of the tokenizer on `s` from position `pos`: the next token and
/// the position behind it, `None` where only whitespace is left, or the
/// failure.
pub open spec fn next_token_at(s: Seq<char>, pos: nat) -> Result<Option<(Token, nat)>, LexError> {
    let start = whitespace_end(s, pos);
    if start >= s.len() {
        Ok(None)
    } else if symbol_token(s[start as int]) is Some {
        Ok(Some((symbol_token(s[start as int])->0, start + 1)))
    } else if is_digit(s[start as int]) {
        let end = digits_end(s, start);
        let value = decimal_value(s.subrange(start as int, end as int));
        if value <= u32::MAX {
            Ok(Some((Token::Num { value: value as u32 }, end)))
        } else {
            Err(lex_error_at(s, start, LexErrorKind::NumberTooLarge))
        }
    } else {
        Err(lex_error_at(s, start, LexErrorKind::InvalidCharacter(s[start as int])))
    }
}

/// `tokens` followed by what `rest` holds; the failure of `rest` where it is one.
pub open spec fn prepend_tokens(tokens: Seq<Token>, rest: Result<Seq<Token>, LexError>) -> Result<
    Seq<Token>,
    LexError,
> {
    match rest {
        Ok(more) => Ok(tokens + more),
        Err(e) => Err(e),
    }
}

/// The tokens of `s` from position `pos` on, or the first failure.
pub open spec fn tokens_from(s: Seq<char>, pos: nat) -> Result<Seq<Token>, LexError>
    decreases s.len() - pos,
{
    match next_token_at(s, pos) {
        Ok(None) => Ok(Seq::empty()),
        Ok(Some((token, next))) => {
            proof {
                lemma_next_token_at_advances(s, pos);
            }
            prepend_tokens(seq![token], tokens_from(s, next))
        },
        Err(e) => Err(e),
    }
}

/// The tokens of the text `s`, or the first failure.
pub open spec fn tokens_of(s: Seq<char>) -> Result<Seq<Token>, LexError> {
    tokens_from(s, 0)
}

/// Whitespace is skipped forwards, over whitespace only, and not past the end.
pub proof fn lemma_whitespace_end(s: Seq<char>, pos: nat)
    ensures
        pos <= whitespace_end(s, pos),
        pos <= s.len() ==> whitespace_end(s, pos) <= s.len(),
        forall|i: int| pos <= i < whitespace_end(s, pos) ==> is_whitespace(#[trigger] s[i]),
        whitespace_end(s, pos) < s.len() ==> !is_whitespace(s[whitespace_end(s, pos) as int]),
    decreases s.len() - pos,
{
    if pos < s.len() && is_whitespace(s[pos as int]) {
        lemma_whitespace_end(s, pos + 1);
    }
}

/// Digits are passed forwards, over digits only, and not past the end.
pub proof fn lemma_digits_end(s: Seq<char>, pos: nat)
    ensures
        pos <= digits_end(s, pos),
        pos <= s.len() ==> digits_end(s, pos) <= s.len(),
        forall|i: int| pos <= i < digits_end(s, pos) ==> is_digit(#[trigger] s[i]),
        digits_end(s, pos) < s.len() ==> !is_digit(s[digits_end(s, pos) as int]),
    decreases s.len() - pos,
{
    if pos < s.len() && is_digit(s[pos as int]) {
        lemma_digits_end(s, pos + 1);
    }
}

/// A token ends behind the position from which it was looked for, within the text.
pub proof fn lemma_next_token_at_advances(s: Seq<char>, pos: nat)
    ensures
        next_token_at(s, pos) matches Ok(Some((_, next))) ==> pos < next <= s.len(),
{
    lemma_whitespace_end(s, pos);
    lemma_digits_end(s, whitespace_end(s, pos));
}

/// One more character adds its own line break, if it is one, to the count.
pub proof fn lemma_count_line_breaks_step(s: Seq<char>, pos: nat)
    requires
        pos < s.len(),
    ensures
        count_line_breaks(s.take(pos as int + 1)) == count_line_breaks(s.take(pos as int))
            + if is_line_break(s[pos as int]) {
            1nat
        } else {
            0nat
        },
{
    assert(s.take(pos as int + 1).drop_last() =~= s.take(pos as int));
}

/// A text has at most as many line breaks as characters.
pub proof fn lemma_count_line_breaks_bound(s: Seq<char>)
    ensures
        count_line_breaks(s) <= s.len(),
    decreases s.len(),
{
    if s.len() > 0 {
        lemma_count_line_breaks_bound(s.drop_last());
    }
}

/// Digits from `pos` up to `end`, with no digit at `end`, are passed up to `end`.
pub proof fn lemma_digits_end_is(s: Seq<char>, pos: nat, end: nat)
    requires
        pos <= end <= s.len(),
        forall|i: int| pos <= i < end ==> is_digit(#[trigger] s[i]),
        end == s.len() || !is_digit(s[end as int]),
    ensures
        digits_end(s, pos) == end,
    decreases end - pos,
{
    if pos < end {
        lemma_digits_end_is(s, pos + 1, end);
    }
}

/// At the end of a text no token is left.
pub proof fn lemma_no_token_at_end(s: Seq<char>)
    ensures
        next_token_at(s, s.len()) == Ok::<Option<(Token, nat)>, LexError>(None),
        tokens_from(s, s.len()) == Ok::<Seq<Token>, LexError>(Seq::empty()),
{
    assert(whitespace_end(s, s.len()) == s.len());
}

/// A text that consists of digits alone, at least one, and denotes a number
/// up to `u32::MAX` has exactly one token: that number.
pub proof fn lemma_digits_are_one_number(d: Seq<char>)
    requires
        d.len() > 0,
        all_digits(d),
        decimal_value(d) <= u32::MAX,
    ensures
        tokens_of(d) == Ok::<Seq<Token>, LexError>(
            seq![Token::Num { value: decimal_value(d) as u32 }],
        ),
{
    let token = Token::Num { value: decimal_value(d) as u32 };
    lemma_digits_end_is(d, 0, d.len());
    lemma_no_token_at_end(d);
    assert(d.subrange(0, d.len() as int) =~= d);
    assert(next_token_at(d, 0) == Ok::<Option<(Token, nat)>, LexError>(Some((token, d.len()))));
    assert(seq![token] + Seq::<Token>::empty() =~= seq![token]);
}

/// A text that consists of digits alone and denotes a number above
/// `u32::MAX` is not tokenized: the tokenizer fails at its first digit.
pub proof fn lemma_digits_too_large_fail(d: Seq<char>)
    requires
        all_digits(d),
        decimal_value(d) > u32::MAX,
    ensures
        tokens_of(d) == Err::<Seq<Token>, LexError>(
            (LexError { kind: LexErrorKind::NumberTooLarge, position: 0, line: 1 }),
        ),
{
    assert(d.len() > 0);
    lemma_digits_end_is(d, 0, d.len());
    assert(d.subrange(0, d.len() as int) =~= d);
    assert(d.take(0) =~= Seq::<char>::empty());
}

/// Where the tokenizer succeeds from `pos` on, every character from `pos` on
/// is whitespace, a digit or one of the six symbols.
pub proof fn lemma_tokens_from_accepted(s: Seq<char>, pos: nat)
    requires
        tokens_from(s, pos) is Ok,
    ensures
        forall|i: int| pos <= i < s.len() ==> is_accepted(#[trigger] s[i]),
    decreases s.len() - pos,
{
    let start = whitespace_end(s, pos);
    lemma_whitespace_end(s, pos);
    match next_token_at(s, pos) {
        Ok(Some((_, next))) => {
            lemma_next_token_at_advances(s, pos);
            lemma_digits_end(s, start);
            lemma_tokens_from_accepted(s, next);
            assert forall|i: int| pos <= i < s.len() implies is_accepted(#[trigger] s[i]) by {
                if i < start {
                } else if i < next {
                } else {
                }
            }
        },
        _ => {},
    }
}

/// A text that holds any character other than whitespace, a digit and the
/// six symbols `( ) + - * /` is not tokenized: the tokenizer fails on it.
pub proof fn lemma_unaccepted_character_fails(s: Seq<char>, i: int)
    requires
        0 <= i < s.len(),
        !is_accepted(s[i]),
    ensures
        tokens_of(s) is Err,
{
    if tokens_of(s) is Ok {
        lemma_tokens_from_accepted(s, 0);
    }
}

/// A place in the text: how many characters, and how many line breaks among
/// them, lie before it.
#[derive(Clone, Copy)]
struct Cursor {
    pos: usize,
    line: usize,
}

/// A tokenizer over one text. It hands out the tokens one by one, from the
/// start of the text to its end.
pub struct Lexer {
    source: Vec<char>,
    cursor: Cursor,
}

impl Lexer {
    #[verifier::type_invariant]
    spec fn inv(&self) -> bool {
        &&& self.source@.len() <= usize::MAX
        &&& self.cursor.pos <= self.source@.len()
        &&& self.cursor.line == count_line_breaks(self.source@.take(self.cursor.pos as int))
    }

    /// The text that is tokenized.
    pub closed spec fn source(&self) -> Seq<char> {
        self.source@
    }

    /// How many characters of the text have been passed.
    pub closed spec fn position(&self) -> nat {
        self.cursor.pos as nat
    }

    /// How many line breaks have been passed.
    pub closed spec fn line(&self) -> nat {
        self.cursor.line as nat
    }

    /// A tokenizer at the start of `source`.
    pub fn new(source: &str) -> (lexer: Lexer)
        ensures
            lexer.source() == source@,
            lexer.position() == 0,
            lexer.line() == 0,
    {
        let mut chars: Vec<char> = Vec::new();
        for c in it: source.chars()
            invariant
                it.seq() == source@,
                chars@ == source@.take(it.index() as int),
        {
            chars.push(c);
        }
        assert(source@.take(0) =~= Seq::<char>::empty());
        assert(chars@.len() == chars.len());
        Lexer { source: chars, cursor: Cursor { pos: 0, line: 0 } }
    }

    /// The next token of the text, `None` once only whitespace is left, or the
    /// failure at the place where no token starts. After a token the tokenizer
    /// stands behind it, after `None` at the end of the text, and after a
    /// failure at the place of the failure.
    pub fn next_token(&mut self) -> (r: Result<Option<Token>, LexError>)
        ensures
            final(self).source() == old(self).source(),
            final(self).position() <= final(self).source().len(),
            final(self).line() == count_line_breaks(
                final(self).source().take(final(self).position() as int),
            ),
            match next_token_at(old(self).source(), old(self).position()) {
                Ok(Some((token, next))) => r == Ok::<Option<Token>, LexError>(Some(token))
                    && final(self).position() == next,
                Ok(None) => r == Ok::<Option<Token>, LexError>(None) && final(self).position()
                    == old(self).source().len(),
                Err(e) => r == Err::<Option<Token>, LexError>(e) && final(self).position()
                    == e.position,
            },
    {
        proof {
            use_type_invariant(&*self);
            lemma_whitespace_end(self.source@, self.cursor.pos as nat);
        }
        self.skip_whitespace();
        proof {
            use_type_invariant(&*self);
        }
        if !self.has_more() {
            return Ok(None);
        }
        let c = self.peek();
        let token = if c == '(' {
            Token::LBracket
        } else if c == ')' {
            Token::RBracket
        } else if c == '+' {
            Token::Plus
        } else if c == '-' {
            Token::Minus
        } else if c == '*' {
            Token::Mult
        } else if c == '/' {
            Token::Div
        } else {
            let number = self.parse_number();
            proof {
                use_type_invariant(&*self);
            }
            return match number {
                Ok(token) => Ok(Some(token)),
                Err(e) => Err(e),
            };
        };
        self.step();
        proof {
            use_type_invariant(&*self);
        }
        Ok(Some(token))
    }

    /// Passes the whitespace at the current position, counting its line breaks.
    fn skip_whitespace(&mut self)
        ensures
            final(self).source@ == old(self).source@,
            final(self).cursor.pos == whitespace_end(old(self).source@, old(self).cursor.pos as nat),
    {
        proof {
            use_type_invariant(&*self);
        }
        while self.has_more() && Lexer::is_whitespace(self.peek())
            invariant
                self.source@ == old(self).source@,
                self.cursor.pos <= self.source@.len(),
                self.cursor.line == count_line_breaks(self.source@.take(self.cursor.pos as int)),
                whitespace_end(self.source@, self.cursor.pos as nat) == whitespace_end(
                    old(self).source@,
                    old(self).cursor.pos as nat,
                ),
            decreases self.source@.len() - self.cursor.pos,
        {
            let c = self.peek();
            proof {
                lemma_count_line_breaks_step(self.source@, self.cursor.pos as nat);
                lemma_count_line_breaks_bound(self.source@.take(self.cursor.pos as int));
            }
            let line = if c == '\n' || c == '\r' {
                self.cursor.line + 1
            } else {
                self.cursor.line
            };
            self.cursor = Cursor { pos: self.cursor.pos + 1, line };
        }
    }

    /// Reads the number whose first digit stands at the current position.
    fn parse_number(&mut self) -> (r: Result<Token, LexError>)
        requires
            old(self).cursor.pos < old(self).source@.len(),
            symbol_token(old(self).source@[old(self).cursor.pos as int]) is None,
            !is_whitespace(old(self).source@[old(self).cursor.pos as int]),
        ensures
            final(self).source@ == old(self).source@,
            match next_token_at(old(self).source@, old(self).cursor.pos as nat) {
                Ok(Some((token, next))) => r == Ok::<Token, LexError>(token)
                    && final(self).cursor.pos == next,
                Ok(None) => false,
                Err(e) => r == Err::<Token, LexError>(e) && final(self).cursor.pos == e.position,
            },
    {
        proof {
            use_type_invariant(&*self);
            lemma_count_line_breaks_bound(self.source@.take(self.cursor.pos as int));
        }
        let start = self.cursor.pos;
        let ghost s = self.source@;
        let first = self.peek();
        if !Lexer::is_numeric(first) {
            return Err(
                LexError {
                    kind: LexErrorKind::InvalidCharacter(first),
                    position: start,
                    line: self.cursor.line + 1,
                },
            );
        }
        let mut value: u64 = 0;
        while self.has_more() && Lexer::is_numeric(self.peek())
            invariant
                s == old(self).source@,
                start == old(self).cursor.pos,
                self.source@ == s,
                start <= self.cursor.pos <= s.len(),
                start < s.len() <= usize::MAX,
                is_digit(s[start as int]),
                symbol_token(s[start as int]) is None,
                !is_whitespace(s[start as int]),
                self.cursor.line == count_line_breaks(s.take(self.cursor.pos as int)),
                self.cursor.line == count_line_breaks(s.take(start as int)),
                self.cursor.line < s.len(),
                digits_end(s, self.cursor.pos as nat) == digits_end(s, start as nat),
                value == decimal_value(s.subrange(start as int, self.cursor.pos as int)),
                value <= u32::MAX,
            decreases s.len() - self.cursor.pos,
        {
            let c = self.peek();
            let pos = self.cursor.pos;
            let digit: u64 = (c as u32 - '0' as u32) as u64;
            proof {
                lemma_count_line_breaks_step(s, pos as nat);
                assert(s.subrange(start as int, pos + 1).drop_last() =~= s.subrange(
                    start as int,
                    pos as int,
                ));
            }
            value = value * 10 + digit;
            if value > u32::MAX as u64 {
                proof {
                    let end = digits_end(s, start as nat);
                    lemma_digits_end(s, (pos + 1) as nat);
                    crate::decimal::lemma_decimal_value_prefix(
                        s.subrange(start as int, end as int),
                        pos + 1 - start,
                    );
                    assert(s.subrange(start as int, end as int).take(pos + 1 - start) =~= s.subrange(
                        start as int,
                        pos + 1,
                    ));
                }
                let line = self.cursor.line;
                self.cursor = Cursor { pos: start, line };
                return Err(
                    LexError { kind: LexErrorKind::NumberTooLarge, position: start, line: line + 1 },
                );
            }
            self.cursor = Cursor { pos: pos + 1, line: self.cursor.line };
        }
        Ok(Token::Num { value: value as u32 })
    }

    /// Passes the character at the current position, which is no line break.
    fn step(&mut self)
        requires
            old(self).cursor.pos < old(self).source@.len(),
            !is_line_break(old(self).source@[old(self).cursor.pos as int]),
        ensures
            final(self).source@ == old(self).source@,
            final(self).cursor.pos == old(self).cursor.pos + 1,
    {
        proof {
            use_type_invariant(&*self);
            lemma_count_line_breaks_step(self.source@, self.cursor.pos as nat);
        }
        self.cursor = Cursor { pos: self.cursor.pos + 1, line: self.cursor.line };
    }

    /// The character at the current position.
    fn peek(&self) -> (c: char)
        requires
            self.cursor.pos < self.source@.len(),
        ensures
            c == self.source@[self.cursor.pos as int],
    {
        self.source[self.cursor.pos]
    }

    /// Whether any character is left.
    fn has_more(&self) -> (b: bool)
        ensures
            b == (self.cursor.pos < self.source@.len()),
            self.source@.len() <= usize::MAX,
    {
        self.cursor.pos < self.source.len()
    }

    /// Whether `c` is a decimal digit.
    fn is_numeric(c: char) -> (b: bool)
        ensures
            b == is_digit(c),
    {
        c >= '0' && c <= '9'
    }

    /// Whether `c` separates tokens.
    fn is_whitespace(c: char) -> (b: bool)
        ensures
            b == is_whitespace(c),
    {
        c == ' ' || c == '\n' || c == '\r' || c == '\t'
    }
}

/// The tokens of `source`, in the order in which they stand in it, or the
/// failure at the first place where no token starts.
pub fn tokenize(source: &str) -> (r: Result<Vec<Token>, LexError>)
    ensures
        match tokens_of(source@) {
            Ok(tokens) => r is Ok && r->Ok_0@ == tokens,
            Err(e) => r == Err::<Vec<Token>, LexError>(e),
        },
{
    let mut lexer = Lexer::new(source);
    let mut tokens: Vec<Token> = Vec::new();
    loop
        invariant
            lexer.source() == source@,
            lexer.position() <= source@.len(),
            prepend_tokens(tokens@, tokens_from(source@, lexer.position())) == tokens_of(source@),
        decreases source@.len() - lexer.position(),
    {
        proof {
            lemma_next_token_at_advances(source@, lexer.position());
        }
        let ghost before = tokens@;
        match lexer.next_token() {
            Ok(Some(token)) => {
                tokens.push(token);
                proof {
                    let rest = tokens_from(source@, lexer.position());
                    if rest is Ok {
                        assert(before + (seq![token] + rest->Ok_0) =~= tokens@ + rest->Ok_0);
                    }
                }
            },
            Ok(None) => {
                assert(tokens@ + Seq::<Token>::empty() =~= tokens@);
                return Ok(tokens);
            },
            Err(e) => {
                return Err(e);
            },
        }
    }
}

} // verus!
